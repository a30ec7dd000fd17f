//! An in-memory snapshot of the document store, as the walker sees it: a
//! table from document identifier to the typed view of that document.
//!
//! The live store is an outside collaborator reached asynchronously; the
//! walker itself only ever consumes one resolved document at a time. This
//! snapshot form is what the synchronous traversal entry point works over,
//! and what tests build directly.

use vstd::prelude::*;

use crate::doc_id::DocId;
use crate::doc_types::{TypedDoc, TypedDocV};

verus! {

/// A snapshot store: a list of (identifier, typed document) entries.
/// Lookup returns the first entry with a matching identifier.
pub struct DocStore {
    docs: Vec<(DocId, TypedDoc)>,
}

impl View for DocStore {
    type V = Seq<(Seq<u8>, TypedDocV)>;

    closed spec fn view(&self) -> Seq<(Seq<u8>, TypedDocV)> {
        self.docs@.map_values(|p: (DocId, TypedDoc)| (p.0@, p.1@))
    }
}

/// First entry of `s` whose identifier is `id`, if any.
pub open spec fn lookup_in(s: Seq<(Seq<u8>, TypedDocV)>, id: Seq<u8>) -> Option<TypedDocV>
    decreases s.len(),
{
    if s.len() == 0 {
        None
    } else if s[0].0 == id {
        Some(s[0].1)
    } else {
        lookup_in(s.drop_first(), id)
    }
}

/// If no entry among the first `n` matches `id`, lookup can skip them.
proof fn lemma_lookup_skip(s: Seq<(Seq<u8>, TypedDocV)>, id: Seq<u8>, n: int)
    requires
        0 <= n <= s.len(),
        forall|j: int| 0 <= j < n ==> s[j].0 != id,
    ensures
        lookup_in(s, id) == lookup_in(s.skip(n), id),
    decreases n,
{
    if n > 0 {
        assert(forall|j: int| 0 <= j < n - 1 ==> s.drop_first()[j].0 != id);
        lemma_lookup_skip(s.drop_first(), id, n - 1);
        assert(s.drop_first().skip(n - 1) =~= s.skip(n));
        assert(lookup_in(s, id) == lookup_in(s.drop_first(), id));
    } else {
        assert(s.skip(0) =~= s);
    }
}

impl DocStore {
    /// The document stored under `id`, if any.
    pub open spec fn doc_of(&self, id: Seq<u8>) -> Option<TypedDocV> {
        lookup_in(self@, id)
    }

    /// An empty store.
    pub fn new() -> (r: DocStore)
        ensures
            r@ == Seq::<(Seq<u8>, TypedDocV)>::empty(),
    {
        let r = DocStore { docs: Vec::new() };
        proof {
            assert(r@ =~= Seq::<(Seq<u8>, TypedDocV)>::empty());
        }
        r
    }

    /// Add a document at the end of the table. A later entry with an
    /// identifier already present is shadowed by the earlier one, since
    /// lookup takes the first match.
    pub fn insert(&mut self, id: DocId, doc: TypedDoc)
        ensures
            final(self)@ == old(self)@.push((id@, doc@)),
    {
        let ghost idv = id@;
        let ghost docv = doc@;
        self.docs.push((id, doc));
        proof {
            assert(self@ =~= old(self)@.push((idv, docv)));
        }
    }

    /// Resolve an identifier to the document stored under it.
    pub fn lookup(&self, id: &DocId) -> (r: Option<&TypedDoc>)
        ensures
            r matches Some(d) ==> self.doc_of(id@) == Some(d@),
            r is None ==> self.doc_of(id@) is None,
    {
        let mut i: usize = 0;
        while i < self.docs.len()
            invariant
                0 <= i <= self.docs.len(),
                self@.len() == self.docs@.len(),
                forall|j: int| 0 <= j < self@.len() ==> self@[j]
                    == (self.docs@[j].0@, self.docs@[j].1@),
                forall|j: int| 0 <= j < i ==> self@[j].0 != id@,
            decreases self.docs.len() - i,
        {
            if self.docs[i].0.eq_id(id) {
                proof {
                    lemma_lookup_skip(self@, id@, i as int);
                    assert(self@.skip(i as int)[0] == self@[i as int]);
                }
                return Some(&self.docs[i].1);
            }
            i += 1;
        }
        proof {
            lemma_lookup_skip(self@, id@, self@.len() as int);
            assert(self@.skip(self@.len() as int) =~= Seq::<(Seq<u8>, TypedDocV)>::empty());
        }
        None
    }
}

} // verus!
