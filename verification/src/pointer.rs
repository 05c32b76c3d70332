//! Pointer resolution: a pointer is split at every `/`, the piece before
//! the first `/` is the root marker and is ignored, and each remaining
//! segment is unescaped and then used to descend one level.

use vstd::prelude::*;
use crate::error::Error;
use crate::escape::{unescaped, unescape_chars};
use crate::text::{chars_of, is_index, index_val, string_of, parse_index};
use crate::value::{lemma_map_lookup_wf, wf, DocView, DocumentValue, empty_object, map_lookup};

verus! {

/// The pieces of a pointer, split at every `/`. Splitting loses no text;
/// an empty pointer is one empty piece.
pub open spec fn pieces(s: Seq<char>) -> Seq<Seq<char>>
    decreases s.len(),
{
    if s.len() == 0 {
        seq![Seq::<char>::empty()]
    } else if s[0] == '/' {
        seq![Seq::<char>::empty()] + pieces(s.drop_first())
    } else {
        let rest = pieces(s.drop_first());
        seq![seq![s[0]] + rest[0]] + rest.drop_first()
    }
}

pub proof fn lemma_pieces_len(s: Seq<char>)
    ensures
        pieces(s).len() >= 1,
    decreases s.len(),
{
    if s.len() > 0 {
        lemma_pieces_len(s.drop_first());
    }
}

/// The segments of a pointer: every piece after the root marker.
pub open spec fn segments(p: Seq<char>) -> Seq<Seq<char>> {
    pieces(p).drop_first()
}

/// The views of a vector of character vectors.
spec fn char_views(rs: Seq<Vec<char>>) -> Seq<Seq<char>> {
    rs.map_values(|piece: Vec<char>| piece@)
}

/// The pointer's pieces as character vectors.
#[verifier::loop_isolation(false)]
fn split_pieces(v: &Vec<char>) -> (r: Vec<Vec<char>>)
    ensures
        char_views(r@) == pieces(v@),
{
    let n = v.len();
    let mut r: Vec<Vec<char>> = Vec::new();
    let mut cur: Vec<char> = Vec::new();
    let mut i: usize = 0;
    proof {
        assert(v@.skip(0) =~= v@);
        assert(prepend_first(cur@, pieces(v@)) =~= pieces(v@)) by {
            lemma_pieces_len(v@);
            assert(Seq::<char>::empty() + pieces(v@)[0] =~= pieces(v@)[0]);
        }
        assert(pieces(v@) =~= char_views(r@) + prepend_first(cur@, pieces(v@.skip(0))));
    }
    while i < n
        invariant
            0 <= i <= n,
            pieces(v@) == char_views(r@) + prepend_first(cur@, pieces(v@.skip(i as int))),
        decreases n - i,
    {
        let ghost rs0 = r@;
        let ghost cur0 = cur@;
        let ghost rest = v@.skip(i as int);
        proof {
            assert(rest[0] == v@[i as int]);
            assert(rest.drop_first() =~= v@.skip(i + 1));
            lemma_pieces_len(v@.skip(i + 1));
        }
        let c = v[i];
        if c == '/' {
            r.push(cur);
            cur = Vec::new();
            proof {
                assert(char_views(r@) =~= char_views(rs0).push(cur0));
                assert(pieces(rest) =~= seq![Seq::<char>::empty()] + pieces(v@.skip(i + 1)));
                assert(prepend_first(cur0, pieces(rest)) =~= seq![cur0] + pieces(v@.skip(i + 1)));
                assert(prepend_first(cur@, pieces(v@.skip(i + 1))) =~= pieces(v@.skip(i + 1)))
                    by {
                    assert(Seq::<char>::empty() + pieces(v@.skip(i + 1))[0] =~= pieces(
                        v@.skip(i + 1),
                    )[0]);
                }
                assert(char_views(r@) + prepend_first(cur@, pieces(v@.skip(i + 1))) =~= char_views(
                    rs0,
                ) + prepend_first(cur0, pieces(rest)));
            }
        } else {
            cur.push(c);
            proof {
                let q = pieces(v@.skip(i + 1));
                assert(pieces(rest) =~= seq![seq![c] + q[0]] + q.drop_first());
                assert(cur0 + (seq![c] + q[0]) =~= cur@ + q[0]);
                assert(prepend_first(cur0, pieces(rest)) =~= prepend_first(cur@, q));
            }
        }
        i = i + 1;
    }
    proof {
        assert(v@.skip(n as int) =~= Seq::<char>::empty());
        assert(pieces(v@.skip(n as int)) =~= seq![Seq::<char>::empty()]);
        assert(prepend_first(cur@, pieces(v@.skip(n as int))) =~= seq![cur@]);
    }
    let ghost rs0 = r@;
    let ghost cur0 = cur@;
    r.push(cur);
    proof {
        assert(char_views(r@) =~= char_views(rs0).push(cur0));
        assert(char_views(r@) =~= pieces(v@));
    }
    r
}

/// A piece sequence with extra text put in front of its first piece.
spec fn prepend_first(c: Seq<char>, ps: Seq<Seq<char>>) -> Seq<Seq<char>> {
    seq![c + ps[0]] + ps.drop_first()
}

/// One descent step: a mapping is entered by the unescaped key; a
/// sequence by the unescaped segment read as an index; scalars have no
/// children.
pub open spec fn step_view(v: DocView, seg: Seq<char>) -> Option<DocView> {
    let key = unescaped(seg);
    match v {
        DocView::Mapping(entries) => map_lookup(entries, key),
        DocView::Sequence(items) => if is_index(key) && index_val(key) < items.len() {
            Some(items[index_val(key) as int])
        } else {
            None
        },
        _ => None,
    }
}

/// The node the given segments lead to, if every step lands.
pub open spec fn resolve_segments(v: DocView, segs: Seq<Seq<char>>) -> Option<DocView>
    decreases segs.len(),
{
    if segs.len() == 0 {
        Some(v)
    } else {
        match step_view(v, segs[0]) {
            Some(w) => resolve_segments(w, segs.drop_first()),
            None => None,
        }
    }
}

/// The node a pointer names, if any.
pub open spec fn resolve_view(root: DocView, p: Seq<char>) -> Option<DocView> {
    resolve_segments(root, segments(p))
}

/// The lenient default or the strict error for a pointer miss.
fn miss(lenient: bool, pointer: &str) -> (r: Result<DocumentValue, Error>)
    ensures
        lenient ==> match r {
            Ok(w) => w@ == empty_object(),
            _ => false,
        },
        !lenient ==> match r {
            Err(Error::PointerNotFound(q)) => q@ == pointer@,
            _ => false,
        },
{
    if lenient {
        Ok(DocumentValue::new_empty_object())
    } else {
        Err(Error::PointerNotFound(pointer.to_owned()))
    }
}

/// The node the pointer names. A miss yields the empty-object sentinel in
/// lenient mode and `PointerNotFound` otherwise; the root pointer yields
/// the whole document unconditionally.
#[verifier::loop_isolation(false)]
pub fn resolve(root: &DocumentValue, pointer: &str, lenient: bool) -> (r: Result<
    DocumentValue,
    Error,
>)
    ensures
        match resolve_view(root@, pointer@) {
            Some(v) => match r {
                Ok(w) => w@ == v,
                _ => false,
            },
            None => {
                &&& lenient ==> match r {
                    Ok(w) => w@ == empty_object(),
                    _ => false,
                }
                &&& !lenient ==> match r {
                    Err(Error::PointerNotFound(q)) => q@ == pointer@,
                    _ => false,
                }
            },
        },
{
    let chars = chars_of(pointer);
    let ps = split_pieces(&chars);
    let ghost segs = segments(pointer@);
    proof {
        lemma_pieces_len(pointer@);
        assert(char_views(ps@).drop_first() =~= segs);
    }
    let n = ps.len();
    let mut idx: usize = 1;
    let mut cur: &DocumentValue = root;
    proof {
        assert(segs.skip(0) =~= segs);
    }
    while idx < n
        invariant
            1 <= idx <= n,
            n == ps@.len(),
            resolve_segments(root@, segs) == resolve_segments(cur@, segs.skip(idx - 1)),
        decreases n - idx,
    {
        let ghost gseg = segs[idx - 1];
        let ghost tail = segs.skip(idx - 1);
        proof {
            assert(tail[0] == gseg);
            assert(tail.drop_first() =~= segs.skip(idx as int));
            assert(ps@[idx as int]@ == char_views(ps@)[idx as int]);
            assert(gseg == ps@[idx as int]@);
        }
        let key_chars = unescape_chars(&ps[idx]);
        match cur {
            DocumentValue::Mapping(_) => {
                let key = string_of(&key_chars);
                let found = cur.get(&key);
                match found {
                    Some(w) => {
                        proof {
                            assert(step_view(cur@, gseg) == Some(w@));
                        }
                        cur = w;
                    },
                    None => {
                        proof {
                            assert(step_view(cur@, gseg) is None);
                            assert(resolve_segments(root@, segs) is None);
                        }
                        return miss(lenient, pointer);
                    },
                }
            },
            DocumentValue::Sequence(items) => {
                let parsed = parse_index(&key_chars);
                match parsed {
                    Some(ix) => {
                        if ix < items.len() {
                            proof {
                                assert(cur@->Sequence_0[ix as int] == items@[ix as int]@);
                                assert(step_view(cur@, gseg) == Some(items@[ix as int]@));
                            }
                            cur = &items[ix];
                        } else {
                            proof {
                                assert(step_view(cur@, gseg) is None);
                                assert(resolve_segments(root@, segs) is None);
                            }
                            return miss(lenient, pointer);
                        }
                    },
                    None => {
                        proof {
                            assert(step_view(cur@, gseg) is None);
                            assert(resolve_segments(root@, segs) is None);
                        }
                        return miss(lenient, pointer);
                    },
                }
            },
            _ => {
                proof {
                    assert(step_view(cur@, gseg) is None);
                    assert(resolve_segments(root@, segs) is None);
                }
                return miss(lenient, pointer);
            },
        }
        idx = idx + 1;
    }
    proof {
        assert(segs.skip(n - 1) =~= Seq::<Seq<char>>::empty());
        assert(resolve_segments(cur@, segs.skip(n - 1)) == Some(cur@));
    }
    Ok(cur.clone())
}


/// Splitting at `/` respects concatenation through a `/`.
pub proof fn lemma_pieces_concat(a: Seq<char>, b: Seq<char>)
    ensures
        pieces(a + seq!['/'] + b) == pieces(a) + pieces(b),
    decreases a.len(),
{
    let s = a + seq!['/'] + b;
    if a.len() == 0 {
        assert(s =~= seq!['/'] + b);
        assert(s[0] == '/');
        assert(s.drop_first() =~= b);
        assert(pieces(s) == seq![Seq::<char>::empty()] + pieces(b));
        assert(pieces(a) =~= seq![Seq::<char>::empty()]);
        assert(pieces(s) =~= pieces(a) + pieces(b));
    } else {
        let t = a.drop_first();
        lemma_pieces_concat(t, b);
        lemma_pieces_len(t);
        lemma_pieces_len(t + seq!['/'] + b);
        assert(s[0] == a[0]);
        assert(s.len() > 0);
        assert(s.drop_first() =~= t + seq!['/'] + b);
        let q = pieces(t + seq!['/'] + b);
        if a[0] == '/' {
            assert(pieces(s) == seq![Seq::<char>::empty()] + q);
            assert(pieces(a) == seq![Seq::<char>::empty()] + pieces(t));
            assert(pieces(s) =~= pieces(a) + pieces(b));
        } else {
            assert(pieces(s) == seq![seq![s[0]] + q[0]] + q.drop_first());
            assert(q[0] == pieces(t)[0]);
            assert(q.drop_first() =~= pieces(t).drop_first() + pieces(b));
            assert(pieces(a) == seq![seq![a[0]] + pieces(t)[0]] + pieces(t).drop_first());
            assert(pieces(s) =~= pieces(a) + pieces(b));
        }
    }
}

/// Appending a slash-free segment to a pointer appends exactly that
/// segment to its segment list.
pub proof fn lemma_segments_snoc(base: Seq<char>, s: Seq<char>)
    requires
        forall|k: int| 0 <= k < s.len() ==> (#[trigger] s[k]) != '/',
    ensures
        segments(base + seq!['/'] + s) == segments(base).push(s),
{
    lemma_pieces_concat(base, s);
    lemma_pieces_len(base);
    assert(pieces(s) =~= seq![s]) by {
        lemma_pieces_one(s);
    }
    assert((pieces(base) + seq![s]).drop_first() =~= pieces(base).drop_first().push(s));
}

/// A slash-free text is a single piece.
pub proof fn lemma_pieces_one(t: Seq<char>)
    requires
        forall|k: int| 0 <= k < t.len() ==> (#[trigger] t[k]) != '/',
    ensures
        pieces(t) == seq![t],
    decreases t.len(),
{
    if t.len() == 0 {
        assert(t =~= Seq::<char>::empty());
        assert(pieces(t) =~= seq![t]);
    } else {
        let rest = t.drop_first();
        assert(t[0] != '/');
        assert(forall|k: int| 0 <= k < rest.len() ==> rest[k] == t[k + 1]);
        lemma_pieces_one(rest);
        assert(pieces(t) == seq![seq![t[0]] + pieces(rest)[0]] + pieces(rest).drop_first());
        assert(seq![t[0]] + rest =~= t);
        assert(pieces(rest).drop_first() =~= Seq::<Seq<char>>::empty());
        assert(pieces(t) =~= seq![t]);
    }
}

/// Resolution of one more segment is one more descent step.
pub proof fn lemma_resolve_snoc(v: DocView, segs: Seq<Seq<char>>, s: Seq<char>)
    ensures
        resolve_segments(v, segs.push(s)) == (match resolve_segments(v, segs) {
            Some(w) => step_view(w, s),
            None => None,
        }),
    decreases segs.len(),
{
    let whole = segs.push(s);
    if segs.len() == 0 {
        assert(whole[0] == s);
        assert(whole.drop_first() =~= Seq::<Seq<char>>::empty());
        if step_view(v, s) is Some {
            assert(resolve_segments(step_view(v, s).unwrap(), whole.drop_first())
                == step_view(v, s));
        }
    } else {
        assert(whole[0] == segs[0]);
        assert(whole.drop_first() =~= segs.drop_first().push(s));
        match step_view(v, segs[0]) {
            Some(w) => {
                lemma_resolve_snoc(w, segs.drop_first(), s);
            },
            None => {
            },
        }
    }
}


/// Every node reached from a well-formed root is well-formed.
pub proof fn lemma_resolve_wf(root: DocView, segs: Seq<Seq<char>>)
    requires
        wf(root),
        resolve_segments(root, segs) is Some,
    ensures
        wf(resolve_segments(root, segs).unwrap()),
    decreases segs.len(),
{
    if segs.len() > 0 {
        let stepped = step_view(root, segs[0]);
        assert(wf(stepped.unwrap())) by {
            match root {
                DocView::Mapping(entries) => {
                    assert(DocView::Mapping(entries)->Mapping_0 == entries);
                    lemma_map_lookup_wf(entries, unescaped(segs[0]));
                },
                DocView::Sequence(items) => {
                    assert(DocView::Sequence(items)->Sequence_0 == items);
                    assert(wf(items[index_val(unescaped(segs[0])) as int]));
                },
                _ => {
                },
            }
        }
        lemma_resolve_wf(stepped.unwrap(), segs.drop_first());
    }
}

} // verus!
