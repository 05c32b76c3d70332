//! The document tree: an immutable tagged union of scalars, ordered
//! sequences and insertion-ordered mappings, with its mathematical view.

use vstd::prelude::*;

verus! {

broadcast use {vstd::std_specs::vec::axiom_vec_decreases_to_view, vstd::seq::axiom_seq_index_decreases};

/// Mathematical model of a document node. `Mapping` keeps its entries as an
/// ordered sequence of key/value pairs: insertion order is preserved and
/// observable, so a sequence, not an unordered map, is the honest model.
#[verifier::ext_equal]
pub enum DocView {
    Null,
    Bool(bool),
    Number(Seq<char>),
    Text(Seq<char>),
    Sequence(Seq<DocView>),
    Mapping(Seq<(Seq<char>, DocView)>),
}

/// A document node. Numbers are carried in their textual form: the engine
/// never computes with a number, it only hands it through to the template.
#[derive(Debug, PartialEq, Eq)]
pub enum DocumentValue {
    Null,
    Bool(bool),
    Number(String),
    Text(String),
    Sequence(Vec<DocumentValue>),
    Mapping(Vec<(String, DocumentValue)>),
}

impl DocumentValue {
    pub open spec fn dview(self) -> DocView
        decreases self,
    {
        match self {
            DocumentValue::Null => DocView::Null,
            DocumentValue::Bool(b) => DocView::Bool(b),
            DocumentValue::Number(s) => DocView::Number(s@),
            DocumentValue::Text(s) => DocView::Text(s@),
            DocumentValue::Sequence(items) => DocView::Sequence(
                Seq::new(
                    items@.len(),
                    |i: int|
                        if 0 <= i < items@.len() {
                            items@[i].dview()
                        } else {
                            DocView::Null
                        },
                ),
            ),
            DocumentValue::Mapping(entries) => DocView::Mapping(
                Seq::new(
                    entries@.len(),
                    |i: int|
                        if 0 <= i < entries@.len() {
                            (entries@[i].0@, entries@[i].1.dview())
                        } else {
                            (Seq::<char>::empty(), DocView::Null)
                        },
                ),
            ),
        }
    }
}

impl View for DocumentValue {
    type V = DocView;

    open spec fn view(&self) -> DocView {
        self.dview()
    }
}

/// The canonical empty-object sentinel that lenient lookups fall back to.
pub open spec fn empty_object() -> DocView {
    DocView::Mapping(Seq::empty())
}

/// First entry with the given key, in declaration order.
pub open spec fn map_lookup(entries: Seq<(Seq<char>, DocView)>, key: Seq<char>) -> Option<DocView>
    decreases entries.len(),
{
    if entries.len() == 0 {
        None
    } else if entries[0].0 == key {
        Some(entries[0].1)
    } else {
        map_lookup(entries.drop_first(), key)
    }
}

/// Key lookup on a node: only mappings have keyed children.
pub open spec fn doc_get(v: DocView, key: Seq<char>) -> Option<DocView> {
    match v {
        DocView::Mapping(entries) => map_lookup(entries, key),
        _ => None,
    }
}

/// Well-formed documents carry no duplicate mapping keys, at any depth.
pub open spec fn wf(v: DocView) -> bool
    decreases v,
{
    match v {
        DocView::Sequence(items) => forall|i: int|
            0 <= i < items.len() ==> wf(#[trigger] items[i]),
        DocView::Mapping(entries) => {
            &&& forall|i: int, j: int|
                0 <= i < j < entries.len() ==> (#[trigger] entries[i]).0 != (#[trigger] entries[j]).0
            &&& forall|i: int| 0 <= i < entries.len() ==> wf((#[trigger] entries[i]).1)
        },
        _ => true,
    }
}

/// A looked-up entry of a well-formed mapping is the one its key names.
pub proof fn lemma_map_lookup_at(entries: Seq<(Seq<char>, DocView)>, k: int)
    requires
        0 <= k < entries.len(),
        forall|i: int, j: int|
            0 <= i < j < entries.len() ==> (#[trigger] entries[i]).0 != (#[trigger] entries[j]).0,
    ensures
        map_lookup(entries, entries[k].0) == Some(entries[k].1),
    decreases entries.len(),
{
    if k == 0 {
    } else {
        assert(entries[0].0 != entries[k].0);
        assert(forall|i: int, j: int|
            0 <= i < j < entries.drop_first().len() ==> (#[trigger] entries.drop_first()[i]).0
                != (#[trigger] entries.drop_first()[j]).0) by {
            assert(forall|i: int|
                0 <= i < entries.drop_first().len() ==> #[trigger] entries.drop_first()[i]
                    == entries[i + 1]);
        }
        lemma_map_lookup_at(entries.drop_first(), k - 1);
    }
}

/// A looked-up value of a well-formed mapping is itself well-formed.
pub proof fn lemma_map_lookup_wf(entries: Seq<(Seq<char>, DocView)>, key: Seq<char>)
    requires
        wf(DocView::Mapping(entries)),
        map_lookup(entries, key) is Some,
    ensures
        wf(map_lookup(entries, key).unwrap()),
    decreases entries.len(),
{
    assert(DocView::Mapping(entries)->Mapping_0 == entries);
    if entries.len() > 0 && entries[0].0 != key {
        let e2 = entries.drop_first();
        assert(DocView::Mapping(e2)->Mapping_0 == e2);
        assert forall|i: int, j: int| 0 <= i < j < e2.len() implies (#[trigger] e2[i]).0
            != (#[trigger] e2[j]).0 by {
            let t1 = entries[i + 1];
            let t2 = entries[j + 1];
            assert(e2[i] == t1);
            assert(e2[j] == t2);
            assert(t1.0 != t2.0);
        }
        assert forall|i: int| 0 <= i < e2.len() implies wf((#[trigger] e2[i]).1) by {
            assert(e2[i] == entries[i + 1]);
            assert(wf(entries[i + 1].1));
        }
        lemma_map_lookup_wf(e2, key);
    }
}

impl DocumentValue {
    /// The empty-object sentinel as a value.
    pub fn new_empty_object() -> (r: DocumentValue)
        ensures
            r@ == empty_object(),
    {
        let entries: Vec<(String, DocumentValue)> = Vec::new();
        let ghost e0 = entries@;
        let r = DocumentValue::Mapping(entries);
        proof {
            assert(e0.len() == 0);
            assert(r@ is Mapping);
            assert(r@->Mapping_0 =~= Seq::<(Seq<char>, DocView)>::empty());
            assert(r@ =~= empty_object());
        }
        r
    }

    /// Index of the first entry of `entries` with the given key.
    fn map_find(entries: &Vec<(String, DocumentValue)>, key: &String) -> (r: Option<usize>)
        ensures
            match r {
                Some(j) => {
                    &&& 0 <= j < entries@.len()
                    &&& entries@[j as int].0@ == key@
                    &&& forall|k: int| 0 <= k < j ==> (#[trigger] entries@[k]).0@ != key@
                },
                None => forall|k: int|
                    0 <= k < entries@.len() ==> (#[trigger] entries@[k]).0@ != key@,
            },
    {
        let n = entries.len();
        let mut j: usize = 0;
        while j < n
            invariant
                n == entries@.len(),
                0 <= j <= n,
                forall|k: int| 0 <= k < j ==> (#[trigger] entries@[k]).0@ != key@,
            decreases n - j,
        {
            if entries[j].0.eq(key) {
                return Some(j);
            }
            j = j + 1;
        }
        None
    }

    /// Value of the first entry with the given key, if any.
    pub fn get<'a>(&'a self, key: &String) -> (r: Option<&'a DocumentValue>)
        ensures
            match r {
                Some(w) => doc_get(self@, key@) == Some(w@),
                None => doc_get(self@, key@) is None,
            },
    {
        match self {
            DocumentValue::Mapping(entries) => {
                let r = Self::map_find(entries, key);
                proof {
                    let eview = self@->Mapping_0;
                    match r {
                        Some(j) => {
                            lemma_map_lookup_prefix_miss(eview, key@, j as int);
                        },
                        None => {
                            lemma_map_lookup_prefix_miss(eview, key@, eview.len() as int);
                        },
                    }
                }
                match r {
                    Some(j) => Some(&entries[j].1),
                    None => None,
                }
            },
            _ => None,
        }
    }
}

/// If no entry before position `j` carries the key, the lookup outcome is
/// decided at or after `j`.
pub proof fn lemma_map_lookup_prefix_miss(
    entries: Seq<(Seq<char>, DocView)>,
    key: Seq<char>,
    j: int,
)
    requires
        0 <= j <= entries.len(),
        forall|k: int| 0 <= k < j ==> (#[trigger] entries[k]).0 != key,
    ensures
        j < entries.len() && entries[j].0 == key ==> map_lookup(entries, key) == Some(entries[j].1),
        j == entries.len() ==> map_lookup(entries, key) is None,
    decreases j,
{
    if j > 0 {
        assert(entries[0].0 != key);
        assert(forall|k: int|
            0 <= k < entries.drop_first().len() ==> #[trigger] entries.drop_first()[k]
                == entries[k + 1]);
        lemma_map_lookup_prefix_miss(entries.drop_first(), key, j - 1);
    } else {
        if entries.len() > 0 && entries[0].0 == key {
        }
    }
}



/// Deep copy of a node; the copy has the same view.
#[verifier::loop_isolation(false)]
fn clone_value(v: &DocumentValue) -> (r: DocumentValue)
    ensures
        r@ == v@,
    decreases *v,
{
    match v {
        DocumentValue::Null => DocumentValue::Null,
        DocumentValue::Bool(b) => DocumentValue::Bool(*b),
        DocumentValue::Number(s) => DocumentValue::Number(s.clone()),
        DocumentValue::Text(s) => DocumentValue::Text(s.clone()),
        DocumentValue::Sequence(items) => {
            let n = items.len();
            let mut out: Vec<DocumentValue> = Vec::new();
            let mut i: usize = 0;
            while i < n
                invariant
                    n == items@.len(),
                    0 <= i <= n,
                    out@.len() == i,
                    forall|k: int| 0 <= k < i ==> (#[trigger] out@[k])@ == items@[k]@,
                decreases n - i,
            {
                proof {
                    assert(decreases_to!(*v => v->Sequence_0));
                    assert(decreases_to!(v->Sequence_0 => (v->Sequence_0)@));
                    assert(decreases_to!((v->Sequence_0)@ => (v->Sequence_0)@[i as int]));
                    assert(decreases_to!(*v => items@[i as int]));
                }
                out.push(clone_value(&items[i]));
                i = i + 1;
            }
            let r = DocumentValue::Sequence(out);
            proof {
                assert(r@ is Sequence && v@ is Sequence);
                assert(r@->Sequence_0 =~= v@->Sequence_0);
            }
            r
        },
        DocumentValue::Mapping(entries) => {
            let n = entries.len();
            let mut out: Vec<(String, DocumentValue)> = Vec::new();
            let mut i: usize = 0;
            while i < n
                invariant
                    n == entries@.len(),
                    0 <= i <= n,
                    out@.len() == i,
                    forall|k: int|
                        0 <= k < i ==> (#[trigger] out@[k]).0 == entries@[k].0 && out@[k].1@
                            == entries@[k].1@,
                decreases n - i,
            {
                proof {
                    assert(decreases_to!(*v => v->Mapping_0));
                    assert(decreases_to!(v->Mapping_0 => (v->Mapping_0)@));
                    assert(decreases_to!((v->Mapping_0)@ => (v->Mapping_0)@[i as int]));
                    assert(decreases_to!((v->Mapping_0)@[i as int] => (v->Mapping_0)@[i as int].1));
                    assert(decreases_to!(*v => entries@[i as int].1));
                }
                out.push((entries[i].0.clone(), clone_value(&entries[i].1)));
                i = i + 1;
            }
            let r = DocumentValue::Mapping(out);
            proof {
                assert(r@ is Mapping && v@ is Mapping);
                assert(r@->Mapping_0 =~= v@->Mapping_0);
            }
            r
        },
    }
}

impl Clone for DocumentValue {
    /// The copy shows the same view as the original.
    fn clone(&self) -> (r: Self)
        ensures
            r@ == self@,
    {
        clone_value(self)
    }
}

} // verus!
