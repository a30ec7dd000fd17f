//! Document identifiers: stable, globally unique names for documents in the
//! store, compared structurally by value.

use vstd::prelude::*;

verus! {

/// An opaque document identifier. The store names every document by one of
/// these; the same identifier may be produced by independent decodes, so
/// equality is structural over the raw bytes, never by reference.
#[derive(Debug)]
pub struct DocId {
    bytes: Vec<u8>,
}

impl View for DocId {
    type V = Seq<u8>;

    closed spec fn view(&self) -> Seq<u8> {
        self.bytes@
    }
}

impl DocId {
    /// Build an identifier from its raw bytes.
    pub fn new(bytes: Vec<u8>) -> (r: DocId)
        ensures
            r@ == bytes@,
    {
        DocId { bytes }
    }

    /// Structural equality of two identifiers.
    pub fn eq_id(&self, other: &DocId) -> (r: bool)
        ensures
            r == (self@ == other@),
    {
        let r = self.bytes == other.bytes;
        proof {
            if r {
                assert(self.bytes@ =~= other.bytes@);
            }
        }
        r
    }

    /// The raw bytes of this identifier.
    pub fn as_bytes(&self) -> (r: &[u8])
        ensures
            r@ == self@,
    {
        self.bytes.as_slice()
    }

    /// A copy of this identifier with the same bytes.
    pub fn clone_id(&self) -> (r: DocId)
        ensures
            r@ == self@,
    {
        let bytes = self.bytes.clone();
        proof {
            assert(bytes@ =~= self.bytes@);
        }
        DocId { bytes }
    }
}

/// What the canonical identifier parser of the store returns for a given
/// piece of text: the raw bytes of the identifier, or nothing when the text
/// is not a well-formed identifier. The parse is a function of the text
/// alone.
pub uninterp spec fn parsed_doc_id(s: Seq<char>) -> Option<Seq<u8>>;

/// Relies on `samod_core::DocumentId::from_str` (which accepts the
/// bs58check-encoded form preferred by the store, or a legacy UUID string)
/// and on `DocumentId::as_bytes` for the raw bytes of the parsed value.
/// The result depends on the text alone.
#[verifier::external_body]
fn parse_doc_id_outside(s: &str) -> (r: Option<DocId>)
    ensures
        r matches Some(d) ==> parsed_doc_id(s@) == Some(d@),
        r is None ==> parsed_doc_id(s@) is None,
{
    match s.parse::<samod_core::DocumentId>() {
        Ok(d) => Some(DocId { bytes: d.as_bytes().to_vec() }),
        Err(_) => None,
    }
}

/// Parse the canonical textual form of a document identifier.
pub fn parse_doc_id(s: &str) -> (r: Option<DocId>)
    ensures
        r matches Some(d) ==> parsed_doc_id(s@) == Some(d@),
        r is None ==> parsed_doc_id(s@) is None,
{
    parse_doc_id_outside(s)
}

} // verus!
